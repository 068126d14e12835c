//! The reverse index: ingredient name to the sorted recipe paths that mention it.

use vstd::prelude::*;
use crate::extract::{ingredient_names, Recipe};
use crate::paths::is_recipe;
use crate::render::{blocks, generate_html_index, index_page};
use crate::scan::{file_mentions, index_recipes, SourceFile};
use crate::text::{
    less_than, lemma_less_irreflexive, lemma_less_total, lemma_less_transitive, same_text,
    str_less, strictly_sorted,
};

verus! {

/// One ingredient of the index with the paths of the recipes that mention it.
pub struct IndexEntry {
    pub ingredient: String,
    pub recipes: Vec<String>,
}

/// Keys strictly ascending; each path list non-empty and strictly ascending.
pub open spec fn entries_wf(es: Seq<IndexEntry>) -> bool {
    &&& forall|i: int, j: int|
        0 <= i < j < es.len() ==> str_less(
            #[trigger] es[i].ingredient@,
            #[trigger] es[j].ingredient@,
        )
    &&& forall|i: int|
        0 <= i < es.len() ==> #[trigger] es[i].recipes.len() > 0 && strictly_sorted(
            es[i].recipes.deep_view(),
        )
}

/// The index lists path `p` under ingredient `k`.
pub open spec fn lists(es: Seq<IndexEntry>, k: Seq<char>, p: Seq<char>) -> bool {
    exists|i: int|
        0 <= i < es.len() && #[trigger] es[i].ingredient@ == k && es[i].recipes.deep_view().contains(
            p,
        )
}

/// Some recipe of `rs` has path `p` and mentions ingredient `k`.
pub open spec fn mentions(rs: Seq<Recipe>, k: Seq<char>, p: Seq<char>) -> bool {
    exists|j: int|
        0 <= j < rs.len() && #[trigger] rs[j].path@ == p && rs[j].ingredients.deep_view().contains(
            k,
        )
}

/// Position of the first element of `v` that is not less than `x`.
fn path_slot(v: &Vec<String>, x: &str) -> (pos: usize)
    ensures
        pos <= v.len(),
        forall|j: int| 0 <= j < pos ==> str_less(#[trigger] v@[j]@, x@),
        pos < v.len() ==> !str_less(v@[pos as int]@, x@),
{
    let mut pos: usize = 0;
    while pos < v.len() && less_than(v[pos].as_str(), x)
        invariant
            pos <= v.len(),
            forall|j: int| 0 <= j < pos ==> str_less(#[trigger] v@[j]@, x@),
        decreases v.len() - pos,
    {
        pos += 1;
    }
    pos
}

proof fn lemma_after_slot(s: Seq<Seq<char>>, x: Seq<char>, pos: int)
    requires
        strictly_sorted(s),
        0 <= pos < s.len(),
        !str_less(s[pos], x),
    ensures
        forall|j: int| pos <= j < s.len() ==> !str_less(#[trigger] s[j], x),
        s[pos] != x ==> forall|j: int| pos <= j < s.len() ==> str_less(x, #[trigger] s[j]),
{
    assert forall|j: int| pos <= j < s.len() implies !str_less(#[trigger] s[j], x) by {
        if j > pos {
            lemma_less_total(s[pos], x);
            if str_less(s[j], x) {
                lemma_less_transitive(s[pos], s[j], x);
            }
        }
    }
    if s[pos] != x {
        assert forall|j: int| pos <= j < s.len() implies str_less(x, #[trigger] s[j]) by {
            lemma_less_total(s[pos], x);
            if j > pos {
                lemma_less_transitive(x, s[pos], s[j]);
            }
        }
    }
}

/// Adds `x` to the strictly ascending list `v`, unless it is there already.
pub fn insert_sorted(v: &mut Vec<String>, x: &str)
    requires
        strictly_sorted(old(v).deep_view()),
    ensures
        strictly_sorted(final(v).deep_view()),
        forall|p: Seq<char>|
            #[trigger] final(v).deep_view().contains(p) <==> old(v).deep_view().contains(p) || p
                == x@,
{
    let ghost s = v.deep_view();
    let pos = path_slot(v, x);
    assert forall|j: int| 0 <= j < pos implies str_less(#[trigger] s[j], x@) by {
        assert(s[j] == v@[j]@);
    }
    if pos < v.len() {
        assert(s[pos as int] == v@[pos as int]@);
        proof {
            lemma_after_slot(s, x@, pos as int);
        }
        if same_text(v[pos].as_str(), x) {
            return;
        }
    }
    let ghost s2 = s.insert(pos as int, x@);
    v.insert(pos, x.to_string());
    assert(v.deep_view() =~= s2);
    assert forall|i: int, j: int| 0 <= i < j < s2.len() implies str_less(
        #[trigger] s2[i],
        #[trigger] s2[j],
    ) by {
        if j < pos {
        } else if j == pos {
        } else if i < pos {
            lemma_less_transitive(s2[i], x@, s2[j]);
        } else if i == pos {
        } else {
            assert(s2[i] == s[i - 1] && s2[j] == s[j - 1]);
        }
    }
    assert forall|p: Seq<char>| #[trigger]
        s2.contains(p) <==> s.contains(p) || p == x@ by {
        if s2.contains(p) {
            let k = choose|k: int| 0 <= k < s2.len() && s2[k] == p;
            if k < pos {
                assert(s[k] == p);
            } else if k > pos {
                assert(s[k - 1] == p);
            }
        }
        if s.contains(p) {
            let k = choose|k: int| 0 <= k < s.len() && s[k] == p;
            if k < pos {
                assert(s2[k] == p);
            } else {
                assert(s2[k + 1] == p);
            }
        }
        if p == x@ {
            assert(s2[pos as int] == p);
        }
    }
}

/// Position of the first entry of `es` whose ingredient is not less than `k`.
fn key_slot(es: &Vec<IndexEntry>, k: &str) -> (pos: usize)
    ensures
        pos <= es.len(),
        forall|j: int| 0 <= j < pos ==> str_less(#[trigger] es@[j].ingredient@, k@),
        pos < es.len() ==> !str_less(es@[pos as int].ingredient@, k@),
{
    let mut pos: usize = 0;
    while pos < es.len() && less_than(es[pos].ingredient.as_str(), k)
        invariant
            pos <= es.len(),
            forall|j: int| 0 <= j < pos ==> str_less(#[trigger] es@[j].ingredient@, k@),
        decreases es.len() - pos,
    {
        pos += 1;
    }
    pos
}

/// Records that the recipe at path `p` mentions ingredient `k`.
pub fn add_mention(es: &mut Vec<IndexEntry>, k: &str, p: &str)
    requires
        entries_wf(old(es)@),
    ensures
        entries_wf(final(es)@),
        forall|k2: Seq<char>, p2: Seq<char>|
            #[trigger] lists(final(es)@, k2, p2) <==> lists(old(es)@, k2, p2) || (k2 == k@ && p2
                == p@),
{
    let ghost s = es@;
    let ghost keys = s.map_values(|e: IndexEntry| e.ingredient@);
    assert(strictly_sorted(keys));
    let pos = key_slot(es, k);
    assert forall|j: int| 0 <= j < pos implies str_less(#[trigger] keys[j], k@) by {
        assert(keys[j] == s[j].ingredient@);
    }
    if pos < es.len() {
        proof {
            lemma_after_slot(keys, k@, pos as int);
        }
    }
    if pos < es.len() && same_text(es[pos].ingredient.as_str(), k) {
        let mut e = es.remove(pos);
        assert(e == s[pos as int]);
        assert(s[pos as int].recipes.len() > 0);
        insert_sorted(&mut e.recipes, p);
        assert(e.recipes.deep_view().contains(p@));
        assert(e.recipes.deep_view().len() == e.recipes.len());
        es.insert(pos, e);
        assert(es@ =~= s.update(pos as int, e));
        assert forall|i: int| 0 <= i < es@.len() implies #[trigger] es@[i].ingredient@
            == keys[i] by {}
        assert forall|i: int| 0 <= i < es@.len() implies #[trigger] es@[i].recipes.len() > 0
            && strictly_sorted(es@[i].recipes.deep_view()) by {
            if i != pos {
                assert(s[i].recipes.len() > 0);
            }
        }
        assert forall|k2: Seq<char>, p2: Seq<char>| #[trigger]
            lists(es@, k2, p2) <==> lists(s, k2, p2) || (k2 == k@ && p2 == p@) by {
            if lists(es@, k2, p2) {
                let i = choose|i: int|
                    0 <= i < es@.len() && #[trigger] es@[i].ingredient@ == k2
                        && es@[i].recipes.deep_view().contains(p2);
                if i != pos {
                    assert(s[i].ingredient@ == k2);
                }
            }
            if lists(s, k2, p2) {
                let i = choose|i: int|
                    0 <= i < s.len() && #[trigger] s[i].ingredient@ == k2
                        && s[i].recipes.deep_view().contains(p2);
                assert(es@[i].ingredient@ == k2);
            }
            if k2 == k@ && p2 == p@ {
                assert(es@[pos as int].ingredient@ == k2);
            }
        }
    } else {
        let mut recipes: Vec<String> = Vec::new();
        recipes.push(p.to_string());
        let e = IndexEntry { ingredient: k.to_string(), recipes };
        assert(e.recipes.deep_view() =~= seq![p@]);
        es.insert(pos, e);
        let ghost s2 = es@;
        assert(s2 =~= s.insert(pos as int, e));
        proof {
            if pos < s.len() {
                assert(keys[pos as int] != k@);
            }
        }
        assert forall|i: int, j: int| 0 <= i < j < s2.len() implies str_less(
            #[trigger] s2[i].ingredient@,
            #[trigger] s2[j].ingredient@,
        ) by {
            if j < pos {
                assert(keys[i] == s2[i].ingredient@ && keys[j] == s2[j].ingredient@);
            } else if j == pos {
                assert(keys[i] == s2[i].ingredient@);
            } else if i < pos {
                assert(keys[i] == s2[i].ingredient@ && keys[j - 1] == s2[j].ingredient@);
                lemma_less_transitive(s2[i].ingredient@, k@, s2[j].ingredient@);
            } else if i == pos {
                assert(keys[j - 1] == s2[j].ingredient@);
            } else {
                assert(keys[i - 1] == s2[i].ingredient@ && keys[j - 1] == s2[j].ingredient@);
            }
        }
        assert forall|i: int| 0 <= i < s2.len() implies #[trigger] s2[i].recipes.len() > 0
            && strictly_sorted(s2[i].recipes.deep_view()) by {
            if i < pos {
                assert(s2[i] == s[i]);
            } else if i > pos {
                assert(s2[i] == s[i - 1]);
            }
        }
        assert forall|k2: Seq<char>, p2: Seq<char>| #[trigger]
            lists(s2, k2, p2) <==> lists(s, k2, p2) || (k2 == k@ && p2 == p@) by {
            if lists(s2, k2, p2) {
                let i = choose|i: int|
                    0 <= i < s2.len() && #[trigger] s2[i].ingredient@ == k2
                        && s2[i].recipes.deep_view().contains(p2);
                if i < pos {
                    assert(s[i].ingredient@ == k2);
                } else if i > pos {
                    assert(s[i - 1].ingredient@ == k2);
                } else {
                    assert(e.recipes.deep_view()[0] == p@);
                }
            }
            if lists(s, k2, p2) {
                let i = choose|i: int|
                    0 <= i < s.len() && #[trigger] s[i].ingredient@ == k2
                        && s[i].recipes.deep_view().contains(p2);
                if i < pos {
                    assert(s2[i].ingredient@ == k2);
                } else {
                    assert(s2[i + 1].ingredient@ == k2);
                }
            }
            if k2 == k@ && p2 == p@ {
                assert(s2[pos as int].ingredient@ == k2);
                assert(e.recipes.deep_view()[0] == p@);
            }
        }
    }
}

/// Builds the reverse index of `recipes`: under each ingredient that some
/// recipe mentions, the paths of the recipes that mention it, each once, in
/// ascending order; ingredients in ascending order.
pub fn create_ingredient_index(recipes: &[Recipe]) -> (r: Vec<IndexEntry>)
    ensures
        entries_wf(r@),
        forall|k: Seq<char>, p: Seq<char>|
            #[trigger] lists(r@, k, p) <==> mentions(recipes@, k, p),
{
    let mut es: Vec<IndexEntry> = Vec::new();
    let mut i: usize = 0;
    while i < recipes.len()
        invariant
            i <= recipes.len(),
            entries_wf(es@),
            forall|k: Seq<char>, p: Seq<char>|
                #[trigger] lists(es@, k, p) <==> mentions(recipes@.subrange(0, i as int), k, p),
        decreases recipes.len() - i,
    {
        let rec = &recipes[i];
        let ghost done = recipes@.subrange(0, i as int);
        let ghost names = rec.ingredients.deep_view();
        let mut t: usize = 0;
        while t < rec.ingredients.len()
            invariant
                i < recipes.len(),
                rec == recipes@[i as int],
                names == rec.ingredients.deep_view(),
                done == recipes@.subrange(0, i as int),
                t <= rec.ingredients.len(),
                entries_wf(es@),
                forall|k: Seq<char>, p: Seq<char>|
                    #[trigger] lists(es@, k, p) <==> mentions(done, k, p) || (p == rec.path@
                        && names.subrange(0, t as int).contains(k)),
            decreases rec.ingredients.len() - t,
        {
            let ghost before = es@;
            add_mention(&mut es, rec.ingredients[t].as_str(), rec.path.as_str());
            assert(names[t as int] == rec.ingredients@[t as int]@);
            assert(names.subrange(0, t + 1) =~= names.subrange(0, t as int).push(names[t as int]));
            t += 1;
            assert forall|k: Seq<char>, p: Seq<char>| #[trigger]
                lists(es@, k, p) <==> mentions(done, k, p) || (p == rec.path@ && names.subrange(
                    0,
                    t as int,
                ).contains(k)) by {
                assert(lists(before, k, p) <==> mentions(done, k, p) || (p == rec.path@
                    && names.subrange(0, t - 1).contains(k)));
                let first = names.subrange(0, t - 1);
                let upto = names.subrange(0, t as int);
                if upto.contains(k) && k != names[t - 1] {
                    let x = choose|x: int| 0 <= x < t && #[trigger] upto[x] == k;
                    assert(first[x] == k);
                }
                if first.contains(k) {
                    let x = choose|x: int| 0 <= x < t - 1 && #[trigger] first[x] == k;
                    assert(upto[x] == k);
                }
                if k == names[t - 1] {
                    assert(names.subrange(0, t as int)[t - 1] == k);
                }
            }
        }
        assert(names.subrange(0, t as int) =~= names);
        i += 1;
        assert forall|k: Seq<char>, p: Seq<char>| #[trigger]
            lists(es@, k, p) <==> mentions(recipes@.subrange(0, i as int), k, p) by {
            let now = recipes@.subrange(0, i as int);
            if mentions(now, k, p) {
                let j = choose|j: int|
                    0 <= j < now.len() && #[trigger] now[j].path@ == p
                        && now[j].ingredients.deep_view().contains(k);
                if j < i - 1 {
                    assert(done[j] == now[j]);
                }
            }
            if mentions(done, k, p) {
                let j = choose|j: int|
                    0 <= j < done.len() && #[trigger] done[j].path@ == p
                        && done[j].ingredients.deep_view().contains(k);
                assert(now[j] == done[j]);
            }
            if p == rec.path@ && names.contains(k) {
                assert(now[i - 1] == rec);
            }
        }
    }
    assert(recipes@.subrange(0, i as int) =~= recipes@);
    es
}

/// The index is well formed and lists exactly what the files `fs` mention.
pub open spec fn indexes(es: Seq<IndexEntry>, fs: Seq<SourceFile>) -> bool {
    &&& entries_wf(es)
    &&& forall|k: Seq<char>, p: Seq<char>| #[trigger] lists(es, k, p) <==> file_mentions(fs, k, p)
}

/// The entry of ingredient `k` is the only one that lists anything under `k`.
proof fn lemma_entry_of_key(es: Seq<IndexEntry>, i: int, p: Seq<char>)
    requires
        entries_wf(es),
        0 <= i < es.len(),
    ensures
        lists(es, es[i].ingredient@, p) <==> es[i].recipes.deep_view().contains(p),
{
    if lists(es, es[i].ingredient@, p) {
        let j = choose|j: int|
            0 <= j < es.len() && #[trigger] es[j].ingredient@ == es[i].ingredient@
                && es[j].recipes.deep_view().contains(p);
        if j != i {
            lemma_less_irreflexive(es[i].ingredient@);
            if j < i {
                assert(str_less(es[j].ingredient@, es[i].ingredient@));
            } else {
                assert(str_less(es[i].ingredient@, es[j].ingredient@));
            }
        }
    }
}

/// Two strictly ascending sequences with the same elements are equal.
proof fn lemma_sorted_unique(x: Seq<Seq<char>>, y: Seq<Seq<char>>)
    requires
        strictly_sorted(x),
        strictly_sorted(y),
        forall|e: Seq<char>| x.contains(e) <==> y.contains(e),
    ensures
        x == y,
    decreases x.len() + y.len(),
{
    if x.len() == 0 {
        if y.len() > 0 {
            assert(y.contains(y[0]));
        }
        assert(x =~= y);
    } else if y.len() == 0 {
        assert(x.contains(x[0]));
    } else {
        assert(x.contains(x[0]));
        assert(y.contains(y[0]));
        let i = choose|i: int| 0 <= i < x.len() && x[i] == y[0];
        let j = choose|j: int| 0 <= j < y.len() && y[j] == x[0];
        if i > 0 && j > 0 {
            assert(str_less(x[0], x[i]));
            assert(str_less(y[0], y[j]));
            lemma_less_total(x[0], y[0]);
        }
        if i > 0 && j == 0 {
            assert(str_less(x[0], x[i]));
            lemma_less_irreflexive(x[0]);
        }
        if i == 0 && j > 0 {
            assert(str_less(y[0], y[j]));
            lemma_less_irreflexive(y[0]);
        }
        assert(x[0] == y[0]);
        let xs = x.drop_first();
        let ys = y.drop_first();
        assert forall|e: Seq<char>| xs.contains(e) <==> ys.contains(e) by {
            if xs.contains(e) {
                let a = choose|a: int| 0 <= a < xs.len() && xs[a] == e;
                assert(x[a + 1] == e);
                assert(str_less(x[0], x[a + 1]));
                lemma_less_irreflexive(e);
                assert(y.contains(e));
                let b = choose|b: int| 0 <= b < y.len() && y[b] == e;
                assert(b != 0);
                assert(ys[b - 1] == e);
            }
            if ys.contains(e) {
                let a = choose|a: int| 0 <= a < ys.len() && ys[a] == e;
                assert(y[a + 1] == e);
                assert(str_less(y[0], y[a + 1]));
                lemma_less_irreflexive(e);
                assert(x.contains(e));
                let b = choose|b: int| 0 <= b < x.len() && x[b] == e;
                assert(b != 0);
                assert(xs[b - 1] == e);
            }
        }
        assert(strictly_sorted(xs)) by {
            assert forall|a: int, b: int| 0 <= a < b < xs.len() implies str_less(
                #[trigger] xs[a],
                #[trigger] xs[b],
            ) by {
                assert(xs[a] == x[a + 1] && xs[b] == x[b + 1]);
            }
        }
        assert(strictly_sorted(ys)) by {
            assert forall|a: int, b: int| 0 <= a < b < ys.len() implies str_less(
                #[trigger] ys[a],
                #[trigger] ys[b],
            ) by {
                assert(ys[a] == y[a + 1] && ys[b] == y[b + 1]);
            }
        }
        lemma_sorted_unique(xs, ys);
        assert(x =~= seq![x[0]] + xs);
        assert(y =~= seq![y[0]] + ys);
    }
}

/// Well-formed indexes that list the same things hold the same entries.
proof fn lemma_same_listing(ea: Seq<IndexEntry>, eb: Seq<IndexEntry>)
    requires
        entries_wf(ea),
        entries_wf(eb),
        forall|k: Seq<char>, p: Seq<char>| #[trigger] lists(ea, k, p) <==> lists(eb, k, p),
    ensures
        ea.len() == eb.len(),
        forall|i: int|
            0 <= i < ea.len() ==> #[trigger] ea[i].ingredient@ == eb[i].ingredient@
                && ea[i].recipes.deep_view() == eb[i].recipes.deep_view(),
{
    let ka = ea.map_values(|e: IndexEntry| e.ingredient@);
    let kb = eb.map_values(|e: IndexEntry| e.ingredient@);
    assert forall|k: Seq<char>| ka.contains(k) <==> kb.contains(k) by {
        if ka.contains(k) {
            let i = choose|i: int| 0 <= i < ka.len() && ka[i] == k;
            assert(ea[i].recipes.len() > 0);
            let p = ea[i].recipes.deep_view()[0];
            assert(ea[i].recipes.deep_view().contains(p));
            assert(lists(ea, k, p));
            assert(lists(eb, k, p));
            let j = choose|j: int|
                0 <= j < eb.len() && #[trigger] eb[j].ingredient@ == k
                    && eb[j].recipes.deep_view().contains(p);
            assert(kb[j] == k);
        }
        if kb.contains(k) {
            let i = choose|i: int| 0 <= i < kb.len() && kb[i] == k;
            assert(eb[i].recipes.len() > 0);
            let p = eb[i].recipes.deep_view()[0];
            assert(eb[i].recipes.deep_view().contains(p));
            assert(lists(eb, k, p));
            assert(lists(ea, k, p));
            let j = choose|j: int|
                0 <= j < ea.len() && #[trigger] ea[j].ingredient@ == k
                    && ea[j].recipes.deep_view().contains(p);
            assert(ka[j] == k);
        }
    }
    assert(strictly_sorted(ka)) by {
        assert forall|a: int, b: int| 0 <= a < b < ka.len() implies str_less(
            #[trigger] ka[a],
            #[trigger] ka[b],
        ) by {
            assert(ka[a] == ea[a].ingredient@ && ka[b] == ea[b].ingredient@);
        }
    }
    assert(strictly_sorted(kb)) by {
        assert forall|a: int, b: int| 0 <= a < b < kb.len() implies str_less(
            #[trigger] kb[a],
            #[trigger] kb[b],
        ) by {
            assert(kb[a] == eb[a].ingredient@ && kb[b] == eb[b].ingredient@);
        }
    }
    lemma_sorted_unique(ka, kb);
    assert forall|i: int| 0 <= i < ea.len() implies #[trigger] ea[i].ingredient@
        == eb[i].ingredient@ && ea[i].recipes.deep_view() == eb[i].recipes.deep_view() by {
        assert(ka[i] == kb[i]);
        let k = ea[i].ingredient@;
        assert forall|p: Seq<char>| ea[i].recipes.deep_view().contains(p)
            <==> eb[i].recipes.deep_view().contains(p) by {
            lemma_entry_of_key(ea, i, p);
            lemma_entry_of_key(eb, i, p);
            assert(lists(ea, k, p) <==> lists(eb, k, p));
        }
        assert(ea[i].recipes.len() > 0 && eb[i].recipes.len() > 0);
        lemma_sorted_unique(ea[i].recipes.deep_view(), eb[i].recipes.deep_view());
    }
}

proof fn lemma_same_blocks(ea: Seq<IndexEntry>, eb: Seq<IndexEntry>, u: Seq<char>, d: Seq<char>)
    requires
        ea.len() == eb.len(),
        forall|i: int|
            0 <= i < ea.len() ==> #[trigger] ea[i].ingredient@ == eb[i].ingredient@
                && ea[i].recipes.deep_view() == eb[i].recipes.deep_view(),
    ensures
        blocks(ea, u, d) == blocks(eb, u, d),
    decreases ea.len(),
{
    if ea.len() > 0 {
        let n = ea.len() - 1;
        assert(ea.drop_last().len() == eb.drop_last().len());
        assert forall|i: int| 0 <= i < ea.drop_last().len() implies #[trigger] ea.drop_last()[i].ingredient@
            == eb.drop_last()[i].ingredient@ && ea.drop_last()[i].recipes.deep_view()
            == eb.drop_last()[i].recipes.deep_view() by {
            assert(ea.drop_last()[i] == ea[i] && eb.drop_last()[i] == eb[i]);
        }
        lemma_same_blocks(ea.drop_last(), eb.drop_last(), u, d);
        assert(ea[n].ingredient@ == eb[n].ingredient@);
    }
}

/// Each file of `fa` has a file of `fb` with the same path and text, and
/// the other way round.
pub open spec fn same_files(fa: Seq<SourceFile>, fb: Seq<SourceFile>) -> bool {
    &&& forall|i: int|
        #![trigger fa[i]]
        0 <= i < fa.len() ==> exists|j: int|
            #![trigger fb[j]]
            0 <= j < fb.len() && fb[j].path@ == fa[i].path@ && fb[j].content@ == fa[i].content@
    &&& forall|j: int|
        #![trigger fb[j]]
        0 <= j < fb.len() ==> exists|i: int|
            #![trigger fa[i]]
            0 <= i < fa.len() && fa[i].path@ == fb[j].path@ && fa[i].content@ == fb[j].content@
}

/// Indexing the same files, found in any order, renders the same page.
pub proof fn lemma_page_independent_of_order(
    ea: Seq<IndexEntry>,
    eb: Seq<IndexEntry>,
    fa: Seq<SourceFile>,
    fb: Seq<SourceFile>,
    base_url: Seq<char>,
    base_dir: Seq<char>,
)
    requires
        indexes(ea, fa),
        indexes(eb, fb),
        same_files(fa, fb),
    ensures
        index_page(ea, base_url, base_dir) == index_page(eb, base_url, base_dir),
{
    assert forall|k: Seq<char>, p: Seq<char>| #[trigger] lists(ea, k, p) <==> lists(eb, k, p) by {
        if file_mentions(fa, k, p) {
            let i = choose|i: int|
                0 <= i < fa.len() && #[trigger] fa[i].path@ == p && is_recipe(p)
                    && ingredient_names(fa[i].content@).contains(k);
            let j = choose|j: int|
                #![trigger fb[j]]
                0 <= j < fb.len() && fb[j].path@ == fa[i].path@ && fb[j].content@ == fa[i].content@;
            assert(file_mentions(fb, k, p));
        }
        if file_mentions(fb, k, p) {
            let j = choose|j: int|
                0 <= j < fb.len() && #[trigger] fb[j].path@ == p && is_recipe(p)
                    && ingredient_names(fb[j].content@).contains(k);
            let i = choose|i: int|
                #![trigger fa[i]]
                0 <= i < fa.len() && fa[i].path@ == fb[j].path@ && fa[i].content@ == fb[j].content@;
            assert(file_mentions(fa, k, p));
        }
    }
    lemma_same_listing(ea, eb);
    lemma_same_blocks(ea, eb, base_url, base_dir);
}

/// A recipe file whose text names an ingredient twice is listed under that
/// ingredient exactly once.
pub proof fn lemma_listed_once(es: Seq<IndexEntry>, fs: Seq<SourceFile>, j: int, a: int, b: int)
    requires
        indexes(es, fs),
        0 <= j < fs.len(),
        is_recipe(fs[j].path@),
        0 <= a < b < ingredient_names(fs[j].content@).len(),
        ingredient_names(fs[j].content@)[a] == ingredient_names(fs[j].content@)[b],
    ensures
        exists|i: int, t: int|
            0 <= i < es.len() && es[i].ingredient@ == ingredient_names(fs[j].content@)[a] && 0 <= t
                < es[i].recipes.len() && #[trigger] es[i].recipes.deep_view()[t] == fs[j].path@
                && forall|u: int|
                0 <= u < es[i].recipes.len() && #[trigger] es[i].recipes.deep_view()[u]
                    == fs[j].path@ ==> u == t,
{
    let k = ingredient_names(fs[j].content@)[a];
    let p = fs[j].path@;
    assert(ingredient_names(fs[j].content@).contains(k));
    assert(file_mentions(fs, k, p));
    assert(lists(es, k, p));
    let i = choose|i: int|
        0 <= i < es.len() && #[trigger] es[i].ingredient@ == k && es[i].recipes.deep_view().contains(
            p,
        );
    let ps = es[i].recipes.deep_view();
    let t = choose|t: int| 0 <= t < ps.len() && ps[t] == p;
    assert(es[i].recipes.len() > 0);
    assert(strictly_sorted(ps));
    assert forall|u: int| 0 <= u < es[i].recipes.len() && #[trigger] ps[u] == p implies u == t by {
        lemma_less_irreflexive(p);
        if u < t {
            assert(str_less(ps[u], ps[t]));
        } else if u > t {
            assert(str_less(ps[t], ps[u]));
        }
    }
}

/// The ingredient index of one recipe directory.
pub struct IngredientIndex {
    index: Vec<IndexEntry>,
    base_dir: String,
}

impl IngredientIndex {
    #[verifier::type_invariant]
    spec fn well_formed(&self) -> bool {
        entries_wf(self.index@)
    }

    /// The entries of the index, ingredients in ascending order.
    pub closed spec fn entries(&self) -> Seq<IndexEntry> {
        self.index@
    }

    /// The directory the recipes were found in.
    pub closed spec fn base(&self) -> Seq<char> {
        self.base_dir@
    }

    /// Indexes the files found under `recipes_dir`: under each ingredient
    /// that a recipe file mentions, the paths of those files, each once and
    /// in ascending order.
    pub fn new(recipes_dir: &str, files: &[SourceFile]) -> (r: Self)
        ensures
            indexes(r.entries(), files@),
            r.base() == recipes_dir@,
    {
        let recipes = index_recipes(files);
        let index = create_ingredient_index(recipes.as_slice());
        IngredientIndex { index, base_dir: recipes_dir.to_string() }
    }

    /// The HTML page of the index, linking each recipe under `base_url`.
    pub fn generate_html(&self, base_url: &str) -> (r: String)
        ensures
            r@ == index_page(self.entries(), base_url@, self.base()),
    {
        proof {
            use_type_invariant(self);
        }
        generate_html_index(&self.index, base_url, self.base_dir.as_str())
    }

    /// The ascending recipe paths listed under `ingredient`, which must be
    /// given exactly as the index keys it (trimmed, lower-cased); `None`
    /// where the index has no such ingredient.
    pub fn get_recipes_for_ingredient(&self, ingredient: &str) -> (r: Option<&Vec<String>>)
        ensures
            r is None <==> forall|i: int|
                0 <= i < self.entries().len() ==> #[trigger] self.entries()[i].ingredient@
                    != ingredient@,
            forall|i: int|
                0 <= i < self.entries().len() && #[trigger] self.entries()[i].ingredient@
                    == ingredient@ ==> r == Some(&self.entries()[i].recipes),
            r matches Some(v) ==> v.len() > 0 && strictly_sorted(v.deep_view()),
    {
        proof {
            use_type_invariant(self);
        }
        let mut i: usize = 0;
        while i < self.index.len()
            invariant
                i <= self.index.len(),
                entries_wf(self.index@),
                forall|j: int| 0 <= j < i ==> #[trigger] self.index@[j].ingredient@ != ingredient@,
            decreases self.index.len() - i,
        {
            if same_text(self.index[i].ingredient.as_str(), ingredient) {
                assert forall|j: int|
                    0 <= j < self.index@.len() && #[trigger] self.index@[j].ingredient@
                        == ingredient@ implies j == i by {
                    if j < i {
                    } else if j > i {
                        assert(str_less(self.index@[i as int].ingredient@, self.index@[j].ingredient@));
                        lemma_less_irreflexive(ingredient@);
                    }
                }
                assert(self.entries()[i as int].ingredient@ == ingredient@);
                assert(self.index@[i as int].recipes.len() > 0);
                return Some(&self.index[i].recipes);
            }
            i += 1;
        }
        None
    }

    /// All ingredients of the index, in ascending order.
    pub fn ingredients(&self) -> (r: Vec<&String>)
        ensures
            r.len() == self.entries().len(),
            forall|i: int| 0 <= i < r.len() ==> r[i]@ == #[trigger] self.entries()[i].ingredient@,
            forall|i: int, j: int| 0 <= i < j < r.len() ==> str_less(#[trigger] r[i]@, #[trigger] r[j]@),
    {
        proof {
            use_type_invariant(self);
        }
        let mut r: Vec<&String> = Vec::new();
        let mut i: usize = 0;
        while i < self.index.len()
            invariant
                i <= self.index.len(),
                r.len() == i,
                forall|j: int| 0 <= j < i ==> r[j]@ == #[trigger] self.index@[j].ingredient@,
            decreases self.index.len() - i,
        {
            r.push(&self.index[i].ingredient);
            i += 1;
        }
        assert forall|a: int, b: int| 0 <= a < b < r.len() implies str_less(
            #[trigger] r[a]@,
            #[trigger] r[b]@,
        ) by {
            assert(r[a]@ == self.index@[a].ingredient@ && r[b]@ == self.index@[b].ingredient@);
        }
        r
    }
}

} // verus!
