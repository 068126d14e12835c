//! From the files found under a recipe directory to the recipes they hold.

use vstd::prelude::*;
use crate::extract::{ingredient_names, recipe_from, Recipe};
use crate::index::mentions;
use crate::paths::{is_recipe, is_recipe_path};

verus! {

/// A file found under the recipe directory, with its text.
pub struct SourceFile {
    pub path: String,
    pub content: String,
}

/// Some file of `fs` is a recipe file at path `p` whose text mentions ingredient `k`.
pub open spec fn file_mentions(fs: Seq<SourceFile>, k: Seq<char>, p: Seq<char>) -> bool {
    exists|j: int|
        0 <= j < fs.len() && #[trigger] fs[j].path@ == p && is_recipe(p) && ingredient_names(
            fs[j].content@,
        ).contains(k)
}

/// The recipes of `fs`, in order: one for each recipe file whose text holds
/// at least one ingredient marker, as (path, ingredient names).
pub open spec fn recipes_of(fs: Seq<SourceFile>) -> Seq<(Seq<char>, Seq<Seq<char>>)>
    decreases fs.len(),
{
    if fs.len() == 0 {
        seq![]
    } else {
        let rest = recipes_of(fs.drop_last());
        let f = fs.last();
        if is_recipe(f.path@) && ingredient_names(f.content@).len() > 0 {
            rest.push((f.path@, ingredient_names(f.content@)))
        } else {
            rest
        }
    }
}

/// The path and ingredient names of a recipe.
pub open spec fn recipe_view(r: Recipe) -> (Seq<char>, Seq<Seq<char>>) {
    (r.path@, r.ingredients.deep_view())
}

/// The recipes of the files `files`: each recipe file (by its extension)
/// whose text holds at least one marker, with its ingredient names; other
/// files are passed over.
pub fn index_recipes(files: &[SourceFile]) -> (r: Vec<Recipe>)
    ensures
        r@.map_values(|x: Recipe| recipe_view(x)) == recipes_of(files@),
        forall|k: Seq<char>, p: Seq<char>|
            #[trigger] mentions(r@, k, p) <==> file_mentions(files@, k, p),
{
    let mut r: Vec<Recipe> = Vec::new();
    let mut i: usize = 0;
    assert(r@.map_values(|x: Recipe| recipe_view(x)) =~= recipes_of(files@.subrange(0, 0)));
    while i < files.len()
        invariant
            i <= files.len(),
            r@.map_values(|x: Recipe| recipe_view(x)) == recipes_of(files@.subrange(0, i as int)),
            forall|k: Seq<char>, p: Seq<char>|
                #[trigger] mentions(r@, k, p) <==> file_mentions(
                    files@.subrange(0, i as int),
                    k,
                    p,
                ),
        decreases files.len() - i,
    {
        let f = &files[i];
        let ghost before = r@;
        let ghost done = files@.subrange(0, i as int);
        let ghost now = files@.subrange(0, i + 1);
        assert(now.drop_last() =~= done);
        assert(now.last() == *f);
        let ghost names = ingredient_names(f.content@);
        let ghost wanted = is_recipe(f.path@) && names.len() > 0;
        if is_recipe_path(f.path.as_str()) {
            let found = recipe_from(f.path.as_str(), f.content.as_str());
            match found {
                Some(rec) => {
                    r.push(rec);
                    assert(r@.map_values(|x: Recipe| recipe_view(x)) =~= before.map_values(
                        |x: Recipe| recipe_view(x),
                    ).push(recipe_view(rec)));
                },
                None => {},
            }
        }
        assert(wanted ==> r@.len() == before.len() + 1 && r@.last().path@ == f.path@
            && r@.last().ingredients.deep_view() == names);
        assert(!wanted ==> r@ == before);
        assert(forall|j: int| 0 <= j < before.len() ==> r@[j] == before[j]);
        i += 1;
        assert forall|k: Seq<char>, p: Seq<char>| #[trigger]
            mentions(r@, k, p) <==> file_mentions(now, k, p) by {
            if mentions(r@, k, p) {
                let j = choose|j: int|
                    0 <= j < r@.len() && #[trigger] r@[j].path@ == p
                        && r@[j].ingredients.deep_view().contains(k);
                if j < before.len() {
                    assert(before[j] == r@[j]);
                    assert(mentions(before, k, p));
                    assert(file_mentions(done, k, p));
                    let x = choose|x: int|
                        0 <= x < done.len() && #[trigger] done[x].path@ == p && is_recipe(p)
                            && ingredient_names(done[x].content@).contains(k);
                    assert(now[x] == done[x]);
                } else {
                    assert(wanted);
                    assert(now[i - 1].path@ == p);
                }
            }
            if file_mentions(now, k, p) {
                let x = choose|x: int|
                    0 <= x < now.len() && #[trigger] now[x].path@ == p && is_recipe(p)
                        && ingredient_names(now[x].content@).contains(k);
                if x < i - 1 {
                    assert(done[x] == now[x]);
                    assert(file_mentions(done, k, p));
                    assert(mentions(before, k, p));
                    let j = choose|j: int|
                        0 <= j < before.len() && #[trigger] before[j].path@ == p
                            && before[j].ingredients.deep_view().contains(k);
                    assert(r@[j] == before[j]);
                } else {
                    assert(names.contains(k));
                    assert(wanted);
                    assert(r@[r@.len() - 1].path@ == p);
                }
            }
        }
    }
    assert(files@.subrange(0, i as int) =~= files@);
    r
}

} // verus!
