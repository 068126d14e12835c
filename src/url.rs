//! Mapping a recipe path to the URL it is published under.

use vstd::prelude::*;
use vstd::utf8::encode_scalar;
use crate::paths::{
    components, is_absolute, is_named, is_named_comp, path_components, stem, stem_chars,
};
use crate::extract::{span_run, span_to};
use crate::text::{append_str, chars_of, push_char, same_text, string_from};

verus! {

/// ASCII letters and digits and `-`, `.`, `_`, `~`: the characters a URL
/// carries as they are.
pub open spec fn is_unreserved(c: char) -> bool {
    let u = c as u32;
    (0x30 <= u && u <= 0x39) || (0x41 <= u && u <= 0x5a) || (0x61 <= u && u <= 0x7a) || c == '-'
        || c == '.' || c == '_' || c == '~'
}

/// The upper-case hexadecimal digit of `d` (below 16).
pub open spec fn hex_digit(d: u8) -> char {
    seq!['0', '1', '2', '3', '4', '5', '6', '7', '8', '9', 'A', 'B', 'C', 'D', 'E', 'F'][d as int]
}

/// Each byte of `bs` written as `%` and two upper-case hexadecimal digits.
pub open spec fn escaped_bytes(bs: Seq<u8>) -> Seq<char>
    decreases bs.len(),
{
    if bs.len() == 0 {
        seq![]
    } else {
        seq!['%', hex_digit(bs[0] >> 4), hex_digit(bs[0] & 15)] + escaped_bytes(bs.drop_first())
    }
}

/// Percent-encoding of `s`: unreserved characters stay, every other
/// character becomes its UTF-8 bytes, each escaped.
pub open spec fn url_encoded(s: Seq<char>) -> Seq<char>
    decreases s.len(),
{
    if s.len() == 0 {
        seq![]
    } else {
        let c = s[0];
        (if is_unreserved(c) {
            seq![c]
        } else {
            escaped_bytes(encode_scalar(c as u32))
        }) + url_encoded(s.drop_first())
    }
}

proof fn lemma_escaped_no_space(bs: Seq<u8>)
    ensures
        !escaped_bytes(bs).contains(' '),
    decreases bs.len(),
{
    if bs.len() > 0 {
        let b = bs[0];
        assert(b >> 4u8 < 16u8) by (bit_vector);
        assert(b & 15u8 < 16u8) by (bit_vector);
        let digits = seq!['0', '1', '2', '3', '4', '5', '6', '7', '8', '9', 'A', 'B', 'C', 'D', 'E', 'F'];
        assert(forall|d: int| 0 <= d < 16 ==> #[trigger] digits[d] != ' ');
        lemma_escaped_no_space(bs.drop_first());
        let head = seq!['%', hex_digit(b >> 4), hex_digit(b & 15)];
        let all = head + escaped_bytes(bs.drop_first());
        assert forall|i: int| 0 <= i < all.len() implies #[trigger] all[i] != ' ' by {
            if i >= 3 {
                assert(all[i] == escaped_bytes(bs.drop_first())[i - 3]);
            }
        }
    }
}

/// Percent-encoding leaves no space.
pub proof fn lemma_encoded_no_space(s: Seq<char>)
    ensures
        !url_encoded(s).contains(' '),
    decreases s.len(),
{
    if s.len() > 0 {
        let c = s[0];
        lemma_encoded_no_space(s.drop_first());
        let head = if is_unreserved(c) {
            seq![c]
        } else {
            escaped_bytes(encode_scalar(c as u32))
        };
        if !is_unreserved(c) {
            lemma_escaped_no_space(encode_scalar(c as u32));
        } else {
            assert(c != ' ');
        }
        let all = head + url_encoded(s.drop_first());
        assert forall|i: int| 0 <= i < all.len() implies #[trigger] all[i] != ' ' by {
            if i >= head.len() {
                assert(all[i] == url_encoded(s.drop_first())[i - head.len()]);
            } else {
                assert(all[i] == head[i]);
            }
        }
    }
}

/// Relies on `urlencoding::encode`: every byte of the UTF-8 text but ASCII
/// alphanumerics and `-`, `_`, `.`, `~` becomes `%` and two upper-case hex digits.
#[verifier::external_body]
fn percent_encode(s: &str) -> (r: String)
    ensures
        r@ == url_encoded(s@),
{
    urlencoding::encode(s).into_owned()
}

/// `path` lies under `base`: both absolute or both relative, and the
/// components of `base` begin those of `path`.
pub open spec fn is_under(path: Seq<char>, base: Seq<char>) -> bool {
    let pc = components(path);
    let bc = components(base);
    is_absolute(path) == is_absolute(base) && bc.len() <= pc.len() && pc.subrange(
        0,
        bc.len() as int,
    ) == bc
}

/// A segment that names no component: empty (between two separators), or
/// a `.` that does not start the path.
pub open spec fn is_filler(s: Seq<char>, i: int, n: int) -> bool {
    n == 0 || (n == 1 && s[i] == '.' && i > 0)
}

/// Position in `s` after the next `m` components from position `i`.
pub open spec fn pos_after(s: Seq<char>, i: int, m: nat) -> int
    decreases m, if i < s.len() { s.len() - i } else { 0 },
{
    if m == 0 || i < 0 || i >= s.len() {
        i
    } else {
        let n = span_to(s, i, '/') as int;
        if is_filler(s, i, n) {
            if i + n < s.len() {
                pos_after(s, i + n + 1, m)
            } else {
                s.len() as int
            }
        } else {
            pos_after(s, i + n, (m - 1) as nat)
        }
    }
}

/// Position in `s` after the separators and `.` segments from position `i`.
pub open spec fn skip_filler(s: Seq<char>, i: int) -> int
    decreases if i < s.len() { s.len() - i } else { 0 },
{
    if 0 <= i < s.len() && (s[i] == '/' || (s[i] == '.' && (i + 1 == s.len() || s[i + 1] == '/'))) {
        skip_filler(s, i + 1)
    } else {
        i
    }
}

/// The text of `path` relative to `base`: what follows the components of
/// `base`, without the separators and `.` segments that lead it; all of
/// `path`, as written, where it is not under `base` or `base` is empty.
pub open spec fn relative_text(path: Seq<char>, base: Seq<char>) -> Seq<char> {
    if is_under(path, base) && (is_absolute(base) || components(base).len() > 0) {
        path.subrange(
            skip_filler(path, pos_after(path, 0, components(base).len())),
            path.len() as int,
        )
    } else {
        path
    }
}

/// Length of what comes before a path's body: its root `/`, or a leading
/// `.` component.
pub open spec fn body_start(s: Seq<char>) -> int {
    if s.len() > 0 && (s[0] == '/' || (s[0] == '.' && (s.len() == 1 || s[1] == '/'))) {
        1
    } else {
        0
    }
}

/// `s` without the trailing separators and `.` segments of its body, which
/// starts at `b`.
pub open spec fn trim_back(s: Seq<char>, b: int) -> Seq<char>
    decreases s.len(),
{
    if s.len() <= b || s.len() == 0 {
        s
    } else if s.last() == '/' || (s.last() == '.' && (s.len() - 1 == b || s[s.len() - 2] == '/')) {
        trim_back(s.drop_last(), b)
    } else {
        s
    }
}

/// Position of the last separator of `s` at or after `b`, or -1.
pub open spec fn last_sep(s: Seq<char>, b: int) -> int
    decreases s.len(),
{
    if s.len() <= b || s.len() == 0 {
        -1
    } else if s.last() == '/' {
        s.len() - 1
    } else {
        last_sep(s.drop_last(), b)
    }
}

/// The directory part of path text `r`, as written: the text before its
/// last component, without trailing separators and `.` segments; empty
/// where `r` has no component in its body.
pub open spec fn parent_of(r: Seq<char>) -> Seq<char> {
    let b = body_start(r);
    let t = trim_back(r, b);
    if t.len() <= b {
        seq![]
    } else {
        let k = last_sep(t, b);
        trim_back(
            if k >= 0 {
                t.subrange(0, k)
            } else {
                t.subrange(0, b)
            },
            b,
        )
    }
}

/// The stem of the last of components `cs`, or `unknown` where it names nothing.
pub open spec fn stem_text(cs: Seq<Seq<char>>) -> Seq<char> {
    if cs.len() > 0 && is_named(cs.last()) {
        stem(cs.last())
    } else {
        "unknown"@
    }
}

/// The path of a recipe's link, before encoding: the directory part of its
/// text relative to `base`, a `/`, and its stem; the stem alone where no
/// directory part is left.
pub open spec fn link_path(path: Seq<char>, base: Seq<char>) -> Seq<char> {
    let r = relative_text(path, base);
    let parent = parent_of(r);
    if parent.len() == 0 {
        stem_text(components(r))
    } else {
        parent + seq!['/'] + stem_text(components(r))
    }
}

/// `s` without its trailing slashes.
pub open spec fn trim_slashes(s: Seq<char>) -> Seq<char>
    decreases s.len(),
{
    if s.len() > 0 && s.last() == '/' {
        trim_slashes(s.drop_last())
    } else {
        s
    }
}

/// The URL of the recipe at `path`, published under `base_url`, where the
/// recipes live in `base_dir`.
pub open spec fn url_for(path: Seq<char>, base_url: Seq<char>, base_dir: Seq<char>) -> Seq<char> {
    trim_slashes(base_url) + seq!['/'] + url_encoded(link_path(path, base_dir))
}

proof fn lemma_trim_slashes_prefix(s: Seq<char>)
    ensures
        trim_slashes(s).len() <= s.len(),
        trim_slashes(s) == s.subrange(0, trim_slashes(s).len() as int),
    decreases s.len(),
{
    if s.len() > 0 && s.last() == '/' {
        lemma_trim_slashes_prefix(s.drop_last());
        assert(s.drop_last().subrange(0, trim_slashes(s).len() as int) =~= s.subrange(
            0,
            trim_slashes(s).len() as int,
        ));
    } else {
        assert(s.subrange(0, s.len() as int) =~= s);
    }
}

/// A recipe's URL begins with the base URL, its trailing slashes removed,
/// and a `/`; where the base URL holds no space the URL holds none: spaces of
/// the path are percent-encoded.
pub proof fn lemma_url_shape(path: Seq<char>, base_url: Seq<char>, base_dir: Seq<char>)
    requires
        !base_url.contains(' '),
    ensures
        url_for(path, base_url, base_dir).subrange(0, trim_slashes(base_url).len() + 1int)
            == trim_slashes(base_url) + seq!['/'],
        !url_for(path, base_url, base_dir).contains(' '),
{
    let t = trim_slashes(base_url);
    let e = url_encoded(link_path(path, base_dir));
    let u = url_for(path, base_url, base_dir);
    assert(u == t + seq!['/'] + e);
    assert(u.subrange(0, t.len() + 1int) =~= t + seq!['/']);
    lemma_trim_slashes_prefix(base_url);
    lemma_encoded_no_space(link_path(path, base_dir));
    assert forall|i: int| 0 <= i < u.len() implies #[trigger] u[i] != ' ' by {
        if i < t.len() {
            assert(u[i] == base_url[i]);
        } else if i > t.len() {
            assert(u[i] == e[i - t.len() - 1]);
        }
    }
}

fn starts_with_parts(pc: &Vec<String>, bc: &Vec<String>) -> (r: bool)
    ensures
        r == (bc.len() <= pc.len() && pc.deep_view().subrange(0, bc.len() as int)
            == bc.deep_view()),
{
    if bc.len() > pc.len() {
        return false;
    }
    let mut i: usize = 0;
    while i < bc.len()
        invariant
            bc.len() <= pc.len(),
            i <= bc.len(),
            pc.deep_view().subrange(0, i as int) == bc.deep_view().subrange(0, i as int),
        decreases bc.len() - i,
    {
        if !same_text(pc[i].as_str(), bc[i].as_str()) {
            assert(pc.deep_view().subrange(0, bc.len() as int)[i as int] != bc.deep_view()[i as int]);
            return false;
        }
        i += 1;
        assert(pc.deep_view().subrange(0, i as int) =~= bc.deep_view().subrange(0, i as int));
    }
    assert(bc.deep_view().subrange(0, i as int) =~= bc.deep_view());
    true
}

fn is_absolute_text(s: &str) -> (r: bool)
    ensures
        r == is_absolute(s@),
{
    let v = chars_of(s);
    v.len() > 0 && v[0] == '/'
}

fn trim_slashes_text(s: &str) -> (r: String)
    ensures
        r@ == trim_slashes(s@),
{
    let v = chars_of(s);
    let mut j: usize = v.len();
    assert(v@.subrange(0, j as int) =~= v@);
    while j > 0 && v[j - 1] == '/'
        invariant
            j <= v.len(),
            trim_slashes(v@) == trim_slashes(v@.subrange(0, j as int)),
        decreases j,
    {
        assert(v@.subrange(0, j as int).drop_last() =~= v@.subrange(0, j - 1));
        j -= 1;
    }
    string_from(&v, 0, j)
}

fn pos_after_run(v: &Vec<char>, m: usize) -> (r: usize)
    ensures
        r == pos_after(v@, 0, m as nat),
        r <= v.len(),
{
    let mut i: usize = 0;
    let mut left: usize = m;
    while left > 0 && i < v.len()
        invariant
            i <= v.len(),
            pos_after(v@, 0, m as nat) == pos_after(v@, i as int, left as nat),
        decreases left, v.len() - i,
    {
        let n = span_run(v, i, '/');
        if n == 0 || (n == 1 && v[i] == '.' && i > 0) {
            if i + n < v.len() {
                i = i + n + 1;
            } else {
                return i + n;
            }
        } else {
            i = i + n;
            left = left - 1;
        }
    }
    i
}

fn skip_filler_run(v: &Vec<char>, i: usize) -> (r: usize)
    requires
        i <= v.len(),
    ensures
        r == skip_filler(v@, i as int),
        i <= r <= v.len(),
{
    let mut j: usize = i;
    while j < v.len() && (v[j] == '/' || (v[j] == '.' && (j + 1 == v.len() || v[j + 1] == '/')))
        invariant
            i <= j <= v.len(),
            skip_filler(v@, i as int) == skip_filler(v@, j as int),
        decreases v.len() - j,
    {
        j += 1;
    }
    j
}

fn body_start_of(v: &Vec<char>) -> (r: usize)
    ensures
        r as int == body_start(v@),
        r <= v.len(),
{
    if v.len() > 0 && (v[0] == '/' || (v[0] == '.' && (v.len() == 1 || v[1] == '/'))) {
        1
    } else {
        0
    }
}

/// Length of `trim_back` of the first `hi` characters of `v`.
fn trim_back_len(v: &Vec<char>, hi: usize, b: usize) -> (r: usize)
    requires
        hi <= v.len(),
    ensures
        r <= hi,
        trim_back(v@.subrange(0, hi as int), b as int) == v@.subrange(0, r as int),
{
    let mut j: usize = hi;
    while j > b && j > 0 && (v[j - 1] == '/' || (v[j - 1] == '.' && (j - 1 == b || v[j - 2]
        == '/')))
        invariant
            j <= hi <= v.len(),
            trim_back(v@.subrange(0, hi as int), b as int) == trim_back(
                v@.subrange(0, j as int),
                b as int,
            ),
        decreases j,
    {
        assert(v@.subrange(0, j as int).drop_last() =~= v@.subrange(0, j - 1));
        j -= 1;
    }
    j
}

/// `last_sep` of the first `hi` characters of `v`, as (found, position).
fn last_sep_run(v: &Vec<char>, hi: usize, b: usize) -> (r: (bool, usize))
    requires
        hi <= v.len(),
    ensures
        r.0 ==> r.1 as int == last_sep(v@.subrange(0, hi as int), b as int) && b <= r.1 < hi,
        !r.0 ==> last_sep(v@.subrange(0, hi as int), b as int) == -1,
{
    let mut j: usize = hi;
    while j > b && j > 0 && v[j - 1] != '/'
        invariant
            j <= hi <= v.len(),
            last_sep(v@.subrange(0, hi as int), b as int) == last_sep(
                v@.subrange(0, j as int),
                b as int,
            ),
        decreases j,
    {
        assert(v@.subrange(0, j as int).drop_last() =~= v@.subrange(0, j - 1));
        j -= 1;
    }
    if j > b && j > 0 {
        (true, j - 1)
    } else {
        (false, 0)
    }
}

/// The directory part of the path text `rv`, as written.
fn parent_run(rv: &Vec<char>) -> (r: String)
    ensures
        r@ == parent_of(rv@),
{
    let b = body_start_of(rv);
    let t = trim_back_len(rv, rv.len(), b);
    assert(rv@.subrange(0, rv.len() as int) =~= rv@);
    if t <= b {
        return String::new();
    }
    let (found, k) = last_sep_run(rv, t, b);
    let hi = if found {
        k
    } else {
        b
    };
    assert(rv@.subrange(0, t as int).subrange(0, hi as int) =~= rv@.subrange(0, hi as int));
    let e = trim_back_len(rv, hi, b);
    string_from(rv, 0, e)
}

/// The URL of the recipe at `path`, published under `base_url`, where the
/// recipes live in `base_dir`: `base_url` without trailing slashes, a `/`,
/// and the percent-encoded link path (the path's directory relative to
/// `base_dir` as written, then the file stem).
pub fn path_to_url(path: &str, base_url: &str, base_dir: &str) -> (r: String)
    ensures
        r@ == url_for(path@, base_url@, base_dir@),
{
    let pv = chars_of(path);
    let pc = path_components(path);
    let bc = path_components(base_dir);
    let under = is_absolute_text(path) == is_absolute_text(base_dir) && starts_with_parts(&pc, &bc);
    let start: usize = if under && (is_absolute_text(base_dir) || bc.len() > 0) {
        let p = pos_after_run(&pv, bc.len());
        skip_filler_run(&pv, p)
    } else {
        0
    };
    let rel = string_from(&pv, start, pv.len());
    assert(rel@ == relative_text(path@, base_dir@)) by {
        if !(under && (is_absolute(base_dir@) || components(base_dir@).len() > 0)) {
            assert(pv@.subrange(0, pv.len() as int) =~= pv@);
        }
    }
    let rv = chars_of(rel.as_str());
    let mut link = parent_run(&rv);
    let ghost parent = link@;
    if !link.as_str().is_empty() {
        push_char(&mut link, '/');
    }
    let rc = path_components(rel.as_str());
    let mut named = false;
    if rc.len() > 0 {
        let last = chars_of(rc[rc.len() - 1].as_str());
        assert(last@ == components(rel@).last());
        if is_named_comp(&last) {
            named = true;
            let st = stem_chars(&last);
            let st = string_from(&st, 0, st.len());
            append_str(&mut link, st.as_str());
        }
    }
    if !named {
        append_str(&mut link, "unknown");
    }
    assert(link@ == link_path(path@, base_dir@)) by {
        if parent.len() == 0 {
            assert(link@ =~= stem_text(components(rel@)));
        } else {
            assert(link@ =~= parent + seq!['/'] + stem_text(components(rel@)));
        }
    }
    let mut url = trim_slashes_text(base_url);
    push_char(&mut url, '/');
    let enc = percent_encode(link.as_str());
    append_str(&mut url, enc.as_str());
    url
}

} // verus!
